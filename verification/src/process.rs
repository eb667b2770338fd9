//! Supervised processes, and what is known of the children of the supervisor.
use std::collections::HashMap;

use vstd::prelude::*;

use crate::command::Command;
use crate::maps::keys_of;

verus! {

/// A TCP port that a process listens on.
#[derive(Debug)]
pub struct TcpPort {
    pub host: String,
    /// The file descriptor that the process finds the socket under.
    pub fd: i32,
    pub reuse_addr: bool,
    pub reuse_port: bool,
    pub listen_backlog: usize,
}

impl Clone for TcpPort {
    fn clone(&self) -> (r: Self)
        ensures
            r == *self,
    {
        TcpPort {
            host: self.host.clone(),
            fd: self.fd,
            reuse_addr: self.reuse_addr,
            reuse_port: self.reuse_port,
            listen_backlog: self.listen_backlog,
        }
    }
}

/// What the supervisor needs of the configuration of a container.
#[derive(Debug)]
pub struct ContainerConfig {
    /// The least time between two starts of the process, in milliseconds.
    pub restart_timeout: i64,
    pub tcp_ports: HashMap<u16, TcpPort>,
}

impl ContainerConfig {
    /// The same configuration again.
    pub fn copy(&self) -> (r: ContainerConfig)
        ensures
            r.restart_timeout == self.restart_timeout,
            r.tcp_ports@ == self.tcp_ports@,
    {
        ContainerConfig {
            restart_timeout: self.restart_timeout,
            tcp_ports: self.tcp_ports.clone(),
        }
    }
}

/// A process under supervision.
#[derive(Debug)]
pub struct Process {
    /// The reading of the steady clock, in nanoseconds, before which the process
    /// is not started again.
    pub restart_min: i128,
    pub cmd: Command,
    pub name: String,
    /// The configuration that the process is started with, as text.
    pub config: String,
    pub inner_config: ContainerConfig,
    pub ports: Vec<u16>,
}

/// A listening socket that the supervisor holds for its children.
#[derive(Clone, Copy, PartialEq, Eq, Structural, Debug)]
pub struct Socket {
    pub fd: i32,
}

/// A running child of the supervisor.
#[derive(Debug)]
pub enum Child {
    /// One that is to be started again when it ends.
    Process(Process),
    /// One that no configuration asks for; only its name is known.
    Unidentified(String),
}

/// What is known of a child.
pub enum ChildView {
    Process(Process),
    Unidentified(Seq<char>),
}

impl View for Child {
    type V = ChildView;

    open spec fn view(&self) -> ChildView {
        match self {
            Child::Process(process) => ChildView::Process(*process),
            Child::Unidentified(name) => ChildView::Unidentified(name@),
        }
    }
}

/// What is known of the children.
pub open spec fn known(children: Map<i32, Child>) -> Map<i32, ChildView> {
    Map::new(|pid: i32| children.contains_key(pid), |pid: i32| children[pid]@)
}

impl Child {
    /// The name of the child.
    pub open spec fn name(self) -> Seq<char> {
        match self {
            Child::Process(process) => process.name@,
            Child::Unidentified(name) => name@,
        }
    }

    /// Whether the child listens on `port`, as far as is known.
    pub open spec fn uses(self, port: u16) -> bool {
        match self {
            Child::Process(process) => process.ports@.contains(port),
            Child::Unidentified(_) => false,
        }
    }

    /// The name of the child.
    pub fn get_name(&self) -> (r: &str)
        ensures
            r@ == self.name(),
            self matches Child::Process(process) ==> r@ == process.name@,
            self matches Child::Unidentified(name) ==> r@ == name@,
    {
        match self {
            Child::Process(process) => process.name.as_str(),
            Child::Unidentified(name) => name.as_str(),
        }
    }
}

/// The number of nanoseconds in a millisecond.
pub const NANOS_PER_MILLI: i128 = 1_000_000;

/// The time `millis` milliseconds after `now`.
pub open spec fn time_after(now: i64, millis: i64) -> i128 {
    (now + millis * NANOS_PER_MILLI) as i128
}

/// The earliest time at which a process that is started at `now` may be started
/// again.
pub fn restart_time(now: i64, restart_timeout: i64) -> (r: i128)
    ensures
        r == time_after(now, restart_timeout),
        r == now + restart_timeout * 1_000_000,
{
    now as i128 + restart_timeout as i128 * NANOS_PER_MILLI
}

/// Whether some child is called `name`.
pub open spec fn is_child_name(children: Map<i32, Child>, name: Seq<char>) -> bool {
    exists|pid: i32| #[trigger] children.contains_key(pid) && children[pid].name() == name
}

/// Whether `pids` are those of the children, each once.
pub open spec fn are_pids(pids: Seq<i32>, children: Map<i32, Child>) -> bool {
    &&& pids.no_duplicates()
    &&& forall|pid: i32| #[trigger] pids.contains(pid) <==> children.contains_key(pid)
}

/// The names of the children.
pub fn child_names(children: &HashMap<i32, Child>) -> (r: Vec<String>)
    ensures
        r.len() == children@.len(),
        forall|name: Seq<char>| #[trigger]
            r.deep_view().contains(name) <==> is_child_name(children@, name),
{
    broadcast use vstd::std_specs::hash::group_hash_axioms;

    let pids: Vec<i32> = keys_of(children);
    let mut names: Vec<String> = Vec::new();
    let mut i: usize = 0;
    while i < pids.len()
        invariant
            i <= pids.len(),
            names.len() == i,
            forall|pid: i32| #[trigger] pids@.contains(pid) <==> children@.contains_key(pid),
            forall|j: int|
                0 <= j < i ==> #[trigger] names.deep_view()[j] == children@[pids@[j]].name(),
        decreases pids.len() - i,
    {
        let ghost before: Seq<Seq<char>> = names.deep_view();
        assert(pids@.contains(pids@[i as int]));
        if let Some(child) = children.get(&pids[i]) {
            names.push(child.get_name().to_owned());
            assert(names.deep_view() =~= before.push(child.name()));
        }
        i = i + 1;
    }
    proof {
        assert forall|name: Seq<char>| #[trigger]
            names.deep_view().contains(name) <==> is_child_name(children@, name) by {
            if names.deep_view().contains(name) {
                let j = choose|j: int| 0 <= j < names.len() && names.deep_view()[j] == name;
                assert(pids@.contains(pids@[j]));
            }
            if is_child_name(children@, name) {
                let pid = choose|pid: i32| #[trigger]
                    children@.contains_key(pid) && children@[pid].name() == name;
                assert(pids@.contains(pid));
                let j = choose|j: int| 0 <= j < pids.len() && pids@[j] == pid;
                assert(names.deep_view()[j] == name);
            }
        }
    }
    names
}

/// A child is called as its process is, or, where it is known as none, as it says
/// itself; and it listens on the ports of its process, as far as it has one.
pub proof fn law_what_is_known_of_a_child(child: Child, port: u16)
    ensures
        child matches Child::Process(process) ==> child.name() == process.name@ && (child.uses(port)
            <==> process.ports@.contains(port)),
        child matches Child::Unidentified(name) ==> child.name() == name@ && !child.uses(port),
{
}

/// A rest lasts as many milliseconds as it should.
pub proof fn law_rest(now: i64, millis: i64)
    ensures
        time_after(now, millis) == now + millis * 1_000_000,
{
    assert(i128::MIN <= now + millis * 1_000_000 <= i128::MAX);
}

/// Every child has its name among those of the children, whether it is known as a
/// process or not, and no other name is there.
pub proof fn law_names_of_children(children: Map<i32, Child>, pid: i32, name: Seq<char>)
    ensures
        children.contains_key(pid) ==> (children[pid] matches Child::Process(process)
            ==> is_child_name(children, process.name@)),
        children.contains_key(pid) ==> (children[pid] matches Child::Unidentified(called)
            ==> is_child_name(children, called@)),
        is_child_name(children, name) ==> exists|other: i32| #[trigger]
            children.contains_key(other) && match children[other] {
                Child::Process(process) => process.name@ == name,
                Child::Unidentified(called) => called@ == name,
            },
{
    if is_child_name(children, name) {
        let other = choose|other: i32| #[trigger]
            children.contains_key(other) && children[other].name() == name;
        assert(children.contains_key(other));
    }
}

/// What is known of the children is known of each of them, and leaves nothing out.
pub proof fn law_what_is_known_of_the_children(children: Map<i32, Child>, pid: i32)
    ensures
        known(children).contains_key(pid) <==> children.contains_key(pid),
        children.contains_key(pid) ==> (children[pid] matches Child::Process(process) ==> known(
            children,
        )[pid] == ChildView::Process(process)),
        children.contains_key(pid) ==> (children[pid] matches Child::Unidentified(name) ==> known(
            children,
        )[pid] == ChildView::Unidentified(name@)),
{
}

} // verus!
